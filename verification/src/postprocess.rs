//! The optional arc-fitting post-processor: a program outside this crate that
//! rewrites a finished file. This module only says how it is to be called.
use vstd::prelude::*;

verus! {

/// A program to run, with its arguments in order.
#[derive(Clone, Debug, PartialEq, Eq)]
pub struct Invocation {
    pub program: String,
    pub arguments: Vec<String>,
}

/// The path of the post-processor's executable: the path that the build
/// recorded, or none if it recorded none.
pub fn arcwelder_exe_path(recorded: &str) -> (path: Option<String>)
    ensures
        match path {
            Some(p) => p@ == recorded@,
            None => true,
        },
        path is Some <==> recorded@.len() > 0,
{
    if recorded.is_empty() {
        None
    } else {
        Some(recorded.to_owned())
    }
}

/// The call that has the post-processor read `input_file` and write
/// `output_file`, or none if the build recorded no executable.
pub fn arcwelder(recorded: &str, input_file: &str, output_file: &str) -> (call: Option<Invocation>)
    ensures
        match call {
            Some(c) => {
                &&& c.program@ == recorded@
                &&& c.arguments@.len() == 2
                &&& c.arguments@[0]@ == input_file@
                &&& c.arguments@[1]@ == output_file@
            },
            None => true,
        },
        call is Some <==> recorded@.len() > 0,
{
    match arcwelder_exe_path(recorded) {
        Some(program) => {
            let mut arguments: Vec<String> = Vec::new();
            arguments.push(input_file.to_owned());
            arguments.push(output_file.to_owned());
            Some(Invocation { program, arguments })
        },
        None => None,
    }
}

} // verus!
