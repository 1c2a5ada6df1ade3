//! The decisions of the interactive prompt: which lines to skip, when a
//! block opens, and when the collected input runs. Reading, prompting and
//! printing are left to the caller, which feeds one line at a time (or
//! `None` at the end of input) and performs the action it gets back.
use vstd::prelude::*;

use crate::builtins::{trim_text, trimmed};
use crate::text::{concat, owned, str_to_chars};

verus! {

/// The lines of a block collected so far, and whether a block is open.
pub struct ReplState {
    pub block: String,
    pub in_block: bool,
}

/// What the caller does next.
pub enum ReplAction {
    /// Ask for a new statement.
    Prompt,
    /// Ask for the next line of the open block.
    More,
    /// Run this source text, then ask for a new statement.
    Run(String),
    /// End the session.
    Exit,
}

/// A line with nothing but whitespace.
pub open spec fn blank_line(l: Seq<char>) -> bool {
    trimmed(l).len() == 0
}

/// A line that opens a block: its last non-whitespace character is `:`.
pub open spec fn opens_block(l: Seq<char>) -> bool {
    !blank_line(l) && trimmed(l).last() == ':'
}

impl ReplState {
    /// No block open.
    pub fn new() -> (r: ReplState)
        ensures
            r.block@ == Seq::<char>::empty(),
            !r.in_block,
    {
        ReplState { block: String::new(), in_block: false }
    }
}

/// Whether a line is blank, and whether it opens a block.
fn classify(line: &str) -> (r: (bool, bool))
    ensures
        r.0 == blank_line(line@),
        r.1 == opens_block(line@),
{
    let t = trim_text(line);
    let chars = str_to_chars(t.as_str());
    let n = chars.len();
    if n == 0 {
        (true, false)
    } else {
        (false, chars[n - 1] == ':')
    }
}

/// Feeds one line of input (`None` at its end). Outside a block a blank
/// line is skipped, a line ending in `:` opens a block, and any other line
/// runs. Inside a block a non-blank line is added to it, and a blank line or
/// the end of input runs the whole block. The end of input outside a block
/// ends the session.
pub fn repl_feed(state: &mut ReplState, line: Option<&str>) -> (a: ReplAction)
    ensures
        match line {
            None => if old(state).in_block {
                &&& a matches ReplAction::Run(c) && c@ == old(state).block@
                &&& !final(state).in_block
                &&& final(state).block@ == Seq::<char>::empty()
            } else {
                &&& a is Exit
                &&& !final(state).in_block
                &&& final(state).block@ == old(state).block@
            },
            Some(l) => if old(state).in_block {
                if blank_line(l@) {
                    &&& a matches ReplAction::Run(c) && c@ == old(state).block@
                    &&& !final(state).in_block
                    &&& final(state).block@ == Seq::<char>::empty()
                } else {
                    &&& a is More
                    &&& final(state).in_block
                    &&& final(state).block@ == old(state).block@ + l@
                }
            } else if blank_line(l@) {
                &&& a is Prompt
                &&& !final(state).in_block
                &&& final(state).block@ == old(state).block@
            } else if opens_block(l@) {
                &&& a is More
                &&& final(state).in_block
                &&& final(state).block@ == l@
            } else {
                &&& a matches ReplAction::Run(c) && c@ == l@
                &&& !final(state).in_block
                &&& final(state).block@ == old(state).block@
            },
        },
{
    match line {
        None => {
            if state.in_block {
                let code = owned(state.block.as_str());
                state.block = String::new();
                state.in_block = false;
                ReplAction::Run(code)
            } else {
                ReplAction::Exit
            }
        },
        Some(l) => {
            let (blank, opens) = classify(l);
            if state.in_block {
                if blank {
                    let code = owned(state.block.as_str());
                    state.block = String::new();
                    state.in_block = false;
                    ReplAction::Run(code)
                } else {
                    state.block = concat(state.block.as_str(), l);
                    ReplAction::More
                }
            } else if blank {
                ReplAction::Prompt
            } else if opens {
                state.block = owned(l);
                state.in_block = true;
                ReplAction::More
            } else {
                ReplAction::Run(owned(l))
            }
        },
    }
}

} // verus!
