//! Launch-contract argument parsing.
use vstd::prelude::*;
use crate::text::str_eq;

verus! {

/// What the command line asks for.
#[derive(Debug, Clone, Copy, PartialEq, Eq, Structural)]
pub enum CliAction {
    Run,
    Version,
    Help,
}

/// An argument that is not understood.
#[derive(Debug, Clone, PartialEq, Eq)]
pub struct CliError {
    pub argument: String,
}

/// The action the first argument after the program name asks for; no
/// argument means running the game.
pub open spec fn cli_action(args: Seq<String>) -> Option<CliAction> {
    if args.len() < 2 {
        Some(CliAction::Run)
    } else if args[1]@ == "--version"@ || args[1]@ == "-V"@ {
        Some(CliAction::Version)
    } else if args[1]@ == "--help"@ || args[1]@ == "-h"@ {
        Some(CliAction::Help)
    } else {
        None
    }
}

/// Reads the command line (program name first). Only the first argument
/// counts: `--version`/`-V`, `--help`/`-h`, or nothing; anything else is an
/// error naming it.
pub fn parse_cli(args: &[String]) -> (r: Result<CliAction, CliError>)
    ensures
        match cli_action(args@) {
            Some(a) => r == Ok::<CliAction, CliError>(a),
            None => r matches Err(e) && e.argument@ == args@[1]@,
        },
{
    if args.len() < 2 {
        return Ok(CliAction::Run);
    }
    let arg: &str = args[1].as_str();
    if str_eq(arg, "--version") || str_eq(arg, "-V") {
        Ok(CliAction::Version)
    } else if str_eq(arg, "--help") || str_eq(arg, "-h") {
        Ok(CliAction::Help)
    } else {
        Err(CliError { argument: args[1].clone() })
    }
}

/// The usage text.
pub fn usage() -> (r: &'static str)
    ensures
        r@ == "Usage: pisweep [--version]\n\n  --version   Print version and exit"@,
{
    "Usage: pisweep [--version]\n\n  --version   Print version and exit"
}

/// Law: only the first argument after the program name counts. Two command
/// lines with the same first argument, or both with none, ask for the same
/// thing; the game runs only when there is no argument; and an argument is
/// understood only when it is one of the four flags.
pub proof fn lemma_cli_first_argument(a: Seq<String>, b: Seq<String>)
    requires
        (a.len() < 2) == (b.len() < 2),
        a.len() >= 2 ==> a[1]@ == b[1]@,
    ensures
        cli_action(a) == cli_action(b),
        cli_action(a) == Some(CliAction::Run) <==> a.len() < 2,
        a.len() >= 2 ==> (cli_action(a) is Some <==> (a[1]@ == "--version"@ || a[1]@ == "-V"@
            || a[1]@ == "--help"@ || a[1]@ == "-h"@)),
{
}

} // verus!
