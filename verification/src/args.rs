//! The command line: one argument, the directory to scan.

use vstd::prelude::*;

verus! {

/// Takes the directory out of the arguments that follow the program's name:
/// there must be exactly one.
pub fn process_args(args: &[String]) -> (r: Option<&String>)
    ensures
        r == (if args@.len() == 1 {
            Some(&args@[0])
        } else {
            None
        }),
{
    if args.len() == 1 {
        return Some(&args[0]);
    }
    None
}

} // verus!
