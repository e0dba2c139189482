//! A resolved command invocation: a program name and its argument list, kept
//! exactly as given — arguments are never split on whitespace.

use vstd::prelude::*;

verus! {

/// A program to run together with its arguments, each argument one value.
#[derive(Debug, Clone, PartialEq, Eq)]
pub struct CommandSpec {
    program: String,
    args: Vec<String>,
}

impl CommandSpec {
    /// The program name.
    pub closed spec fn spec_program(self) -> Seq<char> {
        self.program@
    }

    /// The arguments, in order, as character sequences.
    pub closed spec fn spec_args(self) -> Seq<Seq<char>> {
        self.args@.map_values(|a: String| a@)
    }

    /// Build a command from a program name and its arguments, kept verbatim.
    pub fn new(program: &str, args: Vec<String>) -> (r: Self)
        ensures
            r.spec_program() == program@,
            r.spec_args() == args@.map_values(|a: String| a@),
    {
        Self { program: program.to_owned(), args }
    }

    /// The program name.
    pub fn program(&self) -> (r: &str)
        ensures
            r@ == self.spec_program(),
    {
        self.program.as_str()
    }

    /// The arguments, in order.
    pub fn args(&self) -> (r: &[String])
        ensures
            r@.map_values(|a: String| a@) == self.spec_args(),
    {
        self.args.as_slice()
    }

    /// The same command with one more argument appended, as one value.
    pub fn with_arg(self, arg: &str) -> (r: Self)
        ensures
            r.spec_program() == self.spec_program(),
            r.spec_args() == self.spec_args().push(arg@),
    {
        let mut args = self.args;
        args.push(arg.to_owned());
        proof {
            assert(args@.map_values(|a: String| a@) =~= self.spec_args().push(arg@));
        }
        Self { program: self.program, args }
    }
}

} // verus!
