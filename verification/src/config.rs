//! The search configuration: the search string, the name of the file to
//! scan, and the case-insensitivity flag.  The caller is in charge of
//! collecting the process arguments and of reading the environment toggle
//! that selects case-insensitive matching; the configuration itself is an
//! immutable value.

use vstd::prelude::*;
use crate::scanner::copy_bytes;

verus! {

/// Error message returned when too few arguments are supplied.
pub open spec fn usage_message() -> Seq<char> {
    "Too few argments - Syntax: rust_mini_grep <SEARCH_STRING> <SEARCH_FILE_NAME>"@
}

pub struct GrepConfig {
    search_string: Vec<u8>,
    search_file_name: Vec<u8>,
    ignore_case: bool,
}

impl GrepConfig {
    /// The bytes of the search string.
    pub closed spec fn spec_search_string(&self) -> Seq<u8> {
        self.search_string@
    }

    /// The bytes of the file name to scan.
    pub closed spec fn spec_search_file_name(&self) -> Seq<u8> {
        self.search_file_name@
    }

    /// Whether matching folds case.
    pub closed spec fn spec_ignore_case(&self) -> bool {
        self.ignore_case
    }

    /// Build a configuration from the process arguments (program name
    /// excluded): the search string first, the file name second.  With fewer
    /// than two arguments, construction fails with a fixed usage message.
    pub fn new(args: &Vec<Vec<u8>>, ignore_case: bool) -> (r: Result<GrepConfig, &'static str>)
        ensures
            r is Ok <==> args@.len() >= 2,
            r matches Ok(c) ==> c.spec_search_string() == args@[0]@
                && c.spec_search_file_name() == args@[1]@ && c.spec_ignore_case() == ignore_case,
            r matches Err(m) ==> m@ == usage_message(),
    {
        if args.len() < 2 {
            Err("Too few argments - Syntax: rust_mini_grep <SEARCH_STRING> <SEARCH_FILE_NAME>")
        } else {
            let config = GrepConfig {
                search_string: copy_bytes(&args[0]),
                search_file_name: copy_bytes(&args[1]),
                ignore_case,
            };
            Ok(config)
        }
    }

    /// The search string.
    pub fn get_search_string(&self) -> (r: &Vec<u8>)
        ensures
            r@ == self.spec_search_string(),
    {
        &self.search_string
    }

    /// The name of the file to scan.
    pub fn get_search_file_name(&self) -> (r: &Vec<u8>)
        ensures
            r@ == self.spec_search_file_name(),
    {
        &self.search_file_name
    }

    /// Whether matching folds case.
    pub fn is_ignore_case(&self) -> (r: bool)
        ensures
            r == self.spec_ignore_case(),
    {
        self.ignore_case
    }
}

} // verus!
