//! Errors of the Groth16 prover and verifier, with their messages, and the
//! decimal text of numbers that the messages use.

use vstd::prelude::*;

verus! {

/// The decimal digit of `d` (below ten).
pub open spec fn digit_char(d: nat) -> char {
    (48 + d) as char
}

/// The decimal text of `v`, most significant digit first.
pub open spec fn decimal_text(v: nat) -> Seq<char>
    decreases v,
{
    if v < 10 {
        seq![digit_char(v)]
    } else {
        decimal_text(v / 10).push(digit_char(v % 10))
    }
}

/// The text of one decimal digit.
fn digit_str(d: usize) -> (r: &'static str)
    requires
        d < 10,
    ensures
        r@ == seq![digit_char(d as nat)],
{
    proof {
        reveal_strlit("0");
        reveal_strlit("1");
        reveal_strlit("2");
        reveal_strlit("3");
        reveal_strlit("4");
        reveal_strlit("5");
        reveal_strlit("6");
        reveal_strlit("7");
        reveal_strlit("8");
        reveal_strlit("9");
    }
    match d {
        0 => "0",
        1 => "1",
        2 => "2",
        3 => "3",
        4 => "4",
        5 => "5",
        6 => "6",
        7 => "7",
        8 => "8",
        _ => "9",
    }
}

/// The decimal text of `n`.
pub fn number_text(n: usize) -> (s: String)
    ensures
        s@ == decimal_text(n as nat),
    decreases n,
{
    let mut s = if n >= 10 {
        number_text(n / 10)
    } else {
        String::new()
    };
    s.append(digit_str(n % 10));
    s
}

/// The decimal text of a 64-bit number.
pub(crate) fn u64_text(n: u64) -> (s: String)
    ensures
        s@ == decimal_text(n as nat),
    decreases n,
{
    let mut s = if n >= 10 {
        u64_text(n / 10)
    } else {
        String::new()
    };
    s.append(digit_str((n % 10) as usize));
    s
}

/// Errors that can occur during Groth16 operations.
#[derive(Debug, Clone, PartialEq, Eq)]
pub enum Groth16Error {
    /// Lengths of the A, B and C polynomial lists differ
    MismatchedPolynomials(usize, usize, usize),
    /// No polynomials were given
    EmptyPolynomials,
    /// The number of public inputs is wrong
    InvalidInputs(usize),
    /// A polynomial could not be evaluated
    EvaluationError(String),
    /// Encoding or decoding failed
    SerializationError(String),
    /// The witness has the wrong length
    InvalidWitnessLength { expected: usize, actual: usize },
    /// Polynomial division failed
    DivisionError(String),
    /// The QAP step failed
    QapError(String),
}

/// The message of each error.
pub open spec fn groth16_message(e: Groth16Error) -> Seq<char> {
    match e {
        Groth16Error::MismatchedPolynomials(a, b, c) => "Mismatched polynomial vector lengths: a="@
            + decimal_text(a as nat) + ", b="@ + decimal_text(b as nat) + ", c="@ + decimal_text(
            c as nat,
        ),
        Groth16Error::EmptyPolynomials => "Empty polynomial vectors provided"@,
        Groth16Error::InvalidInputs(n) => "Invalid number of inputs: "@ + decimal_text(n as nat),
        Groth16Error::EvaluationError(s) => "Polynomial evaluation error: "@ + s@,
        Groth16Error::SerializationError(s) => "Serialization error: "@ + s@,
        Groth16Error::InvalidWitnessLength { expected, actual } => "Invalid witness length: expected "@
            + decimal_text(expected as nat) + ", got "@ + decimal_text(actual as nat),
        Groth16Error::DivisionError(s) => "Division error: "@ + s@,
        Groth16Error::QapError(s) => "QAP error: "@ + s@,
    }
}

impl Groth16Error {
    /// The error's message.
    pub fn to_string(&self) -> (s: String)
        ensures
            s@ == groth16_message(*self),
    {
        match self {
            Groth16Error::MismatchedPolynomials(a, b, c) => {
                let mut s = String::from_str("Mismatched polynomial vector lengths: a=");
                s.append(number_text(*a).as_str());
                s.append(", b=");
                s.append(number_text(*b).as_str());
                s.append(", c=");
                s.append(number_text(*c).as_str());
                s
            },
            Groth16Error::EmptyPolynomials => String::from_str("Empty polynomial vectors provided"),
            Groth16Error::InvalidInputs(n) => {
                let mut s = String::from_str("Invalid number of inputs: ");
                s.append(number_text(*n).as_str());
                s
            },
            Groth16Error::EvaluationError(m) => {
                let mut s = String::from_str("Polynomial evaluation error: ");
                s.append(m.as_str());
                s
            },
            Groth16Error::SerializationError(m) => {
                let mut s = String::from_str("Serialization error: ");
                s.append(m.as_str());
                s
            },
            Groth16Error::InvalidWitnessLength { expected, actual } => {
                let mut s = String::from_str("Invalid witness length: expected ");
                s.append(number_text(*expected).as_str());
                s.append(", got ");
                s.append(number_text(*actual).as_str());
                s
            },
            Groth16Error::DivisionError(m) => {
                let mut s = String::from_str("Division error: ");
                s.append(m.as_str());
                s
            },
            Groth16Error::QapError(m) => {
                let mut s = String::from_str("QAP error: ");
                s.append(m.as_str());
                s
            },
        }
    }
}

} // verus!
