//! The two commands of the calculator, up to the point where their results
//! are printed.

use crate::balance::{
    balance_of, balance_reaction, balance_result, balanced_equation, equation_text,
};
use crate::elem::{group_elems_checked, grouped, totals_fit, ElemView, Molecule};
use crate::error::{CTError, CTErrorKind, CTResult, ErrorView};
use crate::parser::{molecule_at, reaction_at, Parser};
use crate::text::is_whitespace;
use vstd::prelude::*;

verus! {

/// An error in the use of a command.
pub open spec fn usage_error(desc: Seq<char>) -> ErrorView {
    ErrorView { kind: CTErrorKind::UsageError, desc, pos: None }
}

/// An error in the input as a whole.
pub open spec fn whole_input_error(desc: Seq<char>) -> ErrorView {
    ErrorView { kind: CTErrorKind::InputError, desc, pos: None }
}

/// What the formula `text` stands for: the grouping of the molecule at its
/// beginning, after which nothing but whitespace may follow.
pub open spec fn formula_of(text: Seq<char>) -> Result<Seq<ElemView>, ErrorView> {
    let parsed = molecule_at(text, 0, 0);
    match parsed.result {
        Err(e) => Err(e),
        Ok(m) => if exists|i: int| parsed.idx <= i < text.len() && !is_whitespace(#[trigger] text[i]) {
            Err(whole_input_error("A molecule must not contain whitespace"@))
        } else if !totals_fit(m) {
            Err(whole_input_error("A molecule must not hold more than 4294967295 atoms of an element"@))
        } else {
            Ok(grouped(m))
        },
    }
}

/// What the command `mass` is to look up for the arguments `args`.
pub open spec fn mass_request(args: Seq<Seq<char>>) -> Result<Seq<ElemView>, ErrorView> {
    if args.len() < 1 {
        Err(usage_error("Missing formula."@))
    } else if args.len() > 1 {
        Err(usage_error("Too many arguments."@))
    } else {
        formula_of(args[0])
    }
}

/// What the command `balance` is to print for the arguments `args`: the
/// reaction at the beginning of its one argument, balanced.
pub open spec fn balance_request(args: Seq<Seq<char>>) -> Result<Seq<char>, ErrorView> {
    if args.len() < 1 {
        Err(usage_error("Missing reaction."@))
    } else if args.len() > 1 {
        Err(usage_error("Too many arguments."@))
    } else {
        match reaction_at(args[0], 0, 0).result {
            Err(e) => Err(e),
            Ok(sides) => match balance_result(sides.0, sides.1, balance_of(sides.0, sides.1)) {
                Err(e) => Err(e),
                Ok(coefs) => Ok(equation_text(sides.0, sides.1, coefs)),
            },
        }
    }
}

/// The texts of the arguments.
pub open spec fn arg_texts(args: Seq<String>) -> Seq<Seq<char>> {
    Seq::new(args.len(), |i: int| args[i]@)
}

/// The command `mass`, up to the lookup in the database: reads the formula
/// that is its one argument and groups its elements.
pub fn mass_cmd(args: &[String]) -> (r: CTResult<Molecule>)
    ensures
        (match r {
            Ok(m) => Ok(m.deep_view()),
            Err(e) => Err(e@),
        }) == mass_request(arg_texts(args@)),
{
    if args.len() < 1 {
        Err(CTError::new(CTErrorKind::UsageError, "Missing formula.", None))
    } else if args.len() > 1 {
        Err(CTError::new(CTErrorKind::UsageError, "Too many arguments.", None))
    } else {
        assert(arg_texts(args@)[0] == args@[0]@);
        let ghost text = args@[0]@;
        let mut parser = Parser::new(args[0].as_str());
        let molecule = match parser.parse_molecule() {
            Ok(m) => m,
            Err(e) => {
                return Err(e);
            },
        };
        assert(parser@.input == text);
        if !parser.is_done() {
            // Whitespace ends a molecule, so more input can only follow after
            // whitespace.
            return Err(
                CTError::new(CTErrorKind::InputError, "A molecule must not contain whitespace", None),
            );
        }
        match group_elems_checked(molecule) {
            Some(grouped) => Ok(grouped),
            None => Err(
                CTError::new(
                    CTErrorKind::InputError,
                    "A molecule must not hold more than 4294967295 atoms of an element",
                    None,
                ),
            ),
        }
    }
}

/// The command `balance`, up to the printing: reads the reaction that is its
/// one argument, balances it and writes the balanced reaction.
pub fn balance_cmd(args: &[String]) -> (r: CTResult<String>)
    ensures
        (match r {
            Ok(s) => Ok(s@),
            Err(e) => Err(e@),
        }) == balance_request(arg_texts(args@)),
{
    if args.len() < 1 {
        Err(CTError::new(CTErrorKind::UsageError, "Missing reaction.", None))
    } else if args.len() > 1 {
        Err(CTError::new(CTErrorKind::UsageError, "Too many arguments.", None))
    } else {
        assert(arg_texts(args@)[0] == args@[0]@);
        let mut parser = Parser::new(args[0].as_str());
        let reaction = match parser.parse_reaction() {
            Ok(sides) => sides,
            Err(e) => {
                return Err(e);
            },
        };
        let coefs = match balance_reaction(&reaction) {
            Ok(coefs) => coefs,
            Err(e) => {
                return Err(e);
            },
        };
        Ok(balanced_equation(&reaction, &coefs))
    }
}

} // verus!
