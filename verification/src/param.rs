//! Splitting a command line into piped commands and their redirections, as
//! the argument parser does, but keeping control characters in place.
use vstd::prelude::*;
pub use crate::argparse::{CmdInfo, check_redirect, get_args, get_single, split_on, trimmed_pieces};

verus! {

/// Takes a command line apart: cuts it into commands at `|` and finds each
/// command's redirections.
pub fn command_analysis(command: &String) -> (r: CmdInfo)
    ensures
        r.describes(trimmed_pieces(command@, '|')),
        r.wf(),
{
    let cmds = get_single(command);
    proof {
        crate::argparse::lemma_split_on_len(command@, '|');
        assert(cmds.deep_view().len() == cmds@.len());
    }
    crate::argparse::analyze(cmds)
}

} // verus!
