//! The command line: the names of the input and of the output file.

use vstd::prelude::*;

verus! {

/// The two file names that the command line gives.
#[derive(Debug, PartialEq, Eq)]
pub struct Arguments {
    pub input_filename: String,
    pub output_filename: String,
}

/// Why a command line was not accepted.
#[derive(Debug, PartialEq, Eq)]
pub enum ArgsParseException {
    /// The command line has this many words, not three.
    InvalidNumberOfArguments(usize),
}

/// Reads a command line of three words: the program's name, the input file
/// and the output file. Any other number of words is refused.
pub fn parse_cli_args(args: Vec<String>) -> (parsed: Result<Arguments, ArgsParseException>)
    ensures
        args@.len() != 3 ==> parsed == Err::<Arguments, ArgsParseException>(
            ArgsParseException::InvalidNumberOfArguments(args@.len() as usize),
        ),
        args@.len() == 3 ==> (parsed matches Ok(arguments) && arguments.input_filename@ == args@[1]@
            && arguments.output_filename@ == args@[2]@),
{
    if args.len() != 3 {
        Err(ArgsParseException::InvalidNumberOfArguments(args.len()))
    } else {
        Ok(Arguments { input_filename: args[1].clone(), output_filename: args[2].clone() })
    }
}

} // verus!
