//! Reading a problem from a text in one of the DIMACS formats.
//!
//! The text is parsed by the `dimacs` crate, whose parser is taken on trust.

use vstd::prelude::*;
use vstd::string::StringSliceAdditionalSpecFns;
use crate::solver::Instance;
use crate::solver::formula::{Clause, Lit};

verus! {

/// What a text in one of the DIMACS formats says: a formula in conjunctive
/// normal form, a formula in the nested format, or nothing that can be read,
/// with the reason why.
pub enum Reading {
    /// The clauses of a formula over the variables `1..=num_vars`.
    Cnf { num_vars: u64, clauses: Seq<Seq<Lit>> },
    /// A formula in the nested format.
    Sat,
    /// The text is in neither format; the words say where and why.
    Failed(Seq<char>),
}

/// What the parser of the `dimacs` crate makes of `text`.
pub uninterp spec fn dimacs_reading(text: Seq<char>) -> Reading;

/// The number of digits of the longest numeral that is handed to the parser.
pub const LONGEST_NUMERAL: usize = 9;

/// Whether `byte` is a decimal digit.
pub open spec fn is_digit(byte: u8) -> bool {
    0x30 <= byte <= 0x39
}

/// Whether one of the `LONGEST_NUMERAL + 1` bytes from place `i` on is no
/// decimal digit.
pub open spec fn run_ends(bytes: Seq<u8>, i: int) -> bool {
    exists|k: int| i <= k <= i + LONGEST_NUMERAL && !is_digit(#[trigger] bytes[k])
}

/// Whether `bytes` holds no run of more than `LONGEST_NUMERAL` decimal digits.
pub open spec fn numerals_fit(bytes: Seq<u8>) -> bool {
    forall|i: int| 0 <= i && i + LONGEST_NUMERAL < bytes.len() ==> #[trigger] run_ends(bytes, i)
}

/// What `instance` says.
pub open spec fn said_by(instance: Instance) -> Reading {
    match instance {
        Instance::Cnf { num_vars, clauses } => Reading::Cnf { num_vars, clauses: clauses.deep_view() },
        Instance::Sat => Reading::Sat,
    }
}

/// What the outcome of parsing says: in case of an error, the words of the
/// error.
pub open spec fn reading_of(outcome: Result<Instance, String>) -> Reading {
    match outcome {
        Ok(instance) => said_by(instance),
        Err(words) => Reading::Failed(words@),
    }
}

/// Why a text was not read.
#[derive(Debug)]
pub enum ReadError {
    /// The text holds a numeral of more than `LONGEST_NUMERAL` digits.
    NumeralTooLong,
    /// The text is in neither format; the parser's words say where and why.
    Malformed(String),
}

/// Tests whether `text` holds no run of more than `LONGEST_NUMERAL` decimal
/// digits.
pub fn numerals_fit_in(text: &str) -> (fit: bool)
    ensures
        fit == numerals_fit(text.spec_bytes()),
{
    let bytes = text.as_bytes();
    let mut run: usize = 0;
    let mut i: usize = 0;
    while i < bytes.len()
        invariant
            i <= bytes@.len(),
            run <= LONGEST_NUMERAL,
            run <= i,
            bytes@ == text.spec_bytes(),
            forall|k: int| i - run <= k < i ==> is_digit(#[trigger] bytes@[k]),
            run < i ==> !is_digit(bytes@[i - run - 1]),
            forall|j: int| 0 <= j && j + LONGEST_NUMERAL < i ==> #[trigger] run_ends(bytes@, j),
        decreases bytes@.len() - i,
    {
        let byte: u8 = bytes[i];
        if 0x30 <= byte && byte <= 0x39 {
            if run == LONGEST_NUMERAL {
                proof {
                    let j = i - LONGEST_NUMERAL;
                    assert forall|k: int| j <= k <= j + LONGEST_NUMERAL implies is_digit(#[trigger] bytes@[k]) by {}
                    assert(!run_ends(bytes@, j));
                }
                return false;
            }
            run += 1;
        } else {
            run = 0;
        }
        proof {
            assert forall|j: int| 0 <= j && j + LONGEST_NUMERAL < i + 1 implies #[trigger] run_ends(bytes@, j) by {
                if j + LONGEST_NUMERAL == i {
                    assert(!is_digit(bytes@[i - run]));
                }
            }
        }
        i += 1;
    }
    true
}

/// Calls `dimacs::parse_dimacs` on `text` and hands on what that gives, in
/// the types of this library; of an error, the place and the kind as the
/// parser prints them.
///
/// The contract claims that the parser comes to an end on every text
/// without numerals of more than `LONGEST_NUMERAL` digits, and that what it
/// gives rests on the text alone. The parser computes the numerals as
/// 64-bit numbers and reserves room for as many clauses as the text
/// announces: with numerals that short the arithmetic cannot overflow, and
/// the room stays below 16 GB. Memory and stack are taken to suffice, as
/// they are throughout.
#[verifier::external_body]
fn parse(text: &str) -> (outcome: Result<Instance, String>)
    requires
        numerals_fit(text.spec_bytes()),
    ensures
        reading_of(outcome) == dimacs_reading(text@),
{
    match dimacs::parse_dimacs(text) {
        Ok(dimacs::Instance::Cnf { num_vars, clauses }) => Ok(Instance::Cnf {
            num_vars,
            clauses: clauses.iter().map(|clause| Clause::from_vec(
                clause.lits().iter().map(|lit| Lit {
                    var: lit.var().to_u64(),
                    positive: lit.sign() == dimacs::Sign::Pos,
                }).collect(),
            )).collect(),
        }),
        Ok(dimacs::Instance::Sat { .. }) => Ok(Instance::Sat),
        Err(err) => Err(format!("Loc {:?}, error kind: {:?}", err.loc, err.kind)),
    }
}

/// Reads a problem from `text`.
///
/// A text with a numeral of more than `LONGEST_NUMERAL` digits is not read.
/// Of any other text the result is what the parser of the `dimacs` crate
/// makes of it.
pub fn read_instance(text: &str) -> (result: Result<Instance, ReadError>)
    ensures
        match result {
            Ok(instance) => numerals_fit(text.spec_bytes()) && said_by(instance) == dimacs_reading(text@),
            Err(ReadError::NumeralTooLong) => !numerals_fit(text.spec_bytes()),
            Err(ReadError::Malformed(words)) => numerals_fit(text.spec_bytes()) && Reading::Failed(words@)
                == dimacs_reading(text@),
        },
{
    if !numerals_fit_in(text) {
        return Err(ReadError::NumeralTooLong);
    }
    match parse(text) {
        Ok(instance) => Ok(instance),
        Err(words) => Err(ReadError::Malformed(words)),
    }
}

} // verus!
