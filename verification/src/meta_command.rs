//! Meta-command recognition: the dot-commands the shell accepts.

use vstd::prelude::*;
use vstd::string::StringSliceAdditionalSpecFns;

verus! {

/// How a meta-command line was recognized.
pub enum MetaCommandResult {
    MetaCmdSuccess,
    MetaCmdExit,
    MetaCmdUnrecognizedCmd,
}

pub struct MetaCommandService {}

/// Whether two byte strings are equal.
pub fn bytes_eq(a: &[u8], b: &[u8]) -> (r: bool)
    ensures
        r == (a@ == b@),
{
    if a.len() != b.len() {
        proof {
            assert(a@ != b@);
        }
        return false;
    }
    let mut i: usize = 0;
    while i < a.len()
        invariant
            a@.len() == b@.len(),
            i <= a@.len(),
            forall|j: int| 0 <= j < i ==> a@[j] == b@[j],
        decreases a@.len() - i,
    {
        if a[i] != b[i] {
            return false;
        }
        i = i + 1;
    }
    proof {
        assert(a@ =~= b@);
    }
    true
}

impl MetaCommandService {
    pub fn new() -> (r: MetaCommandService)
        ensures
            true,
    {
        MetaCommandService {}
    }

    /// Recognize a meta-command line: the exit command asks the caller to
    /// close the table and leave; the tree and constants commands ask for
    /// the two read-only printouts; anything else is unrecognized.
    pub fn do_meta_command(&self, cmd: &str) -> (r: MetaCommandResult)
        ensures
            r is MetaCmdExit ==> cmd.spec_bytes() == ".exit;".spec_bytes(),
            r is MetaCmdSuccess ==> (cmd.spec_bytes() == ".btree;".spec_bytes()
                || cmd.spec_bytes() == ".constants;".spec_bytes()),
            cmd.spec_bytes() == ".exit;".spec_bytes() ==> r is MetaCmdExit,
            r is MetaCmdUnrecognizedCmd ==> cmd.spec_bytes() != ".exit;".spec_bytes()
                && cmd.spec_bytes() != ".btree;".spec_bytes() && cmd.spec_bytes()
                != ".constants;".spec_bytes(),
    {
        let b = cmd.as_bytes();
        if bytes_eq(b, ".exit;".as_bytes()) {
            MetaCommandResult::MetaCmdExit
        } else if bytes_eq(b, ".btree;".as_bytes()) {
            MetaCommandResult::MetaCmdSuccess
        } else if bytes_eq(b, ".constants;".as_bytes()) {
            MetaCommandResult::MetaCmdSuccess
        } else {
            MetaCommandResult::MetaCmdUnrecognizedCmd
        }
    }
}

} // verus!
