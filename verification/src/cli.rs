//! Command-line interface.

use vstd::prelude::*;

verus! {

/// Whether the given argument list calls for the usage message: anything but
/// exactly one argument does, and so do the two help forms.
pub open spec fn wants_usage(args: Seq<Seq<char>>) -> bool {
    args.len() != 1 || args[0] == "-h"@ || args[0] == "--help"@
}

/// Should program usage be printed?
///
/// # Arguments
///
/// * `args` - Program arguments, excluding program name.
pub fn should_print_usage(args: &Vec<String>) -> (r: bool)
    ensures
        r == wants_usage(args.deep_view()),
{
    args.len() != 1 || args[0] == "-h".to_owned() || args[0] == "--help".to_owned()
}

} // verus!
